use vstd::prelude::*;
use vstd::arithmetic::div_mod::lemma_fundamental_div_mod;
use vstd::string::StrSliceExecFns;
use vstd::string::StringExecFns;
use crate::error::{LsError, LsResult};
use crate::text::{
    dec_of, pad_left_spec, pad_right_spec, digit_char, u64_to_dec, digit_to_char, pad_left,
    pad_right,
};
use crate::time::Time;

verus! {

/// Display colors: red for links with a missing target, aqua for links,
/// blue for directories, green for executables, white otherwise.
#[derive(Debug, Clone, Copy, PartialEq, Eq, Structural, Default)]
pub enum FileColor {
    Red,
    Aqua,
    Blue,
    Green,
    #[default]
    White,
    Other,
}

pub open spec fn color_code_spec(c: FileColor) -> Seq<char> {
    match c {
        FileColor::Red => "\x1b[31m"@,
        FileColor::Green => "\x1b[32m"@,
        FileColor::Blue => "\x1b[34m"@,
        FileColor::Aqua => "\x1b[36m"@,
        FileColor::Other => "\x1b[37m"@,
        FileColor::White => "\x1b[37m"@,
    }
}

pub open spec fn reset_code_spec() -> Seq<char> {
    "\x1b[0m"@
}

impl FileColor {
    pub fn get_code(&self) -> (r: &'static str)
        ensures
            r@ == color_code_spec(*self),
    {
        match self {
            FileColor::Red => "\x1b[31m",
            FileColor::Green => "\x1b[32m",
            FileColor::Blue => "\x1b[34m",
            FileColor::Aqua => "\x1b[36m",
            FileColor::Other => "\x1b[37m",
            FileColor::White => "\x1b[37m",
        }
    }

    pub fn reset(&self) -> (r: &'static str)
        ensures
            r@ == reset_code_spec(),
    {
        "\x1b[0m"
    }

    /// The name wrapped in this color's escape code and the reset code.
    pub fn wrap(&self, s: &str) -> (r: String)
        ensures
            r@ == color_code_spec(*self) + s@ + reset_code_spec(),
    {
        let mut out = self.get_code().to_owned();
        out.append(s);
        out.append(self.reset());
        out
    }
}

/// What a stat call reports about one filesystem node, as plain values:
/// the node kind, its size, its inode number, the raw POSIX mode bits,
/// and the two timestamps.  The shell converts the platform's stat
/// result into this record before handing it to the library.
#[derive(Debug, Clone, Copy, PartialEq, Eq, Structural)]
pub struct StatInfo {
    pub kind: FileKind,
    pub size: u64,
    pub inode: u64,
    pub mode: u32,
    pub created: Time,
    pub modified: Time,
}

/// The classification of a stat result.  `Other` covers devices,
/// sockets and FIFOs, which the library reports as a failure.
#[derive(Debug, Clone, Copy, PartialEq, Eq, Structural)]
pub enum FileKind {
    File,
    Directory,
    Symlink,
    Other,
}

#[derive(Debug, Clone)]
pub struct MetaData {
    pub size: u64,
    pub human_size: String,
    pub inode: u64,
    pub mode: u32,
    pub mode_str: String,
    pub executable: bool,
    pub created_at: Time,
    pub modified_at: Time,
}

/// The unit divisor for a size: bytes, kibi, mebi or gibi (the scale
/// stops at G).
pub open spec fn size_divisor(size: nat) -> nat {
    if size >= 1073741824 {
        1073741824
    } else if size >= 1048576 {
        1048576
    } else if size >= 1024 {
        1024
    } else {
        1
    }
}

pub open spec fn size_suffix(size: nat) -> char {
    if size >= 1073741824 {
        'G'
    } else if size >= 1048576 {
        'M'
    } else if size >= 1024 {
        'K'
    } else {
        'B'
    }
}

/// The scaled size rounded half-up to two decimals, as hundredths.
pub open spec fn size_hundredths(size: nat) -> nat {
    (200 * size + size_divisor(size)) / (2 * size_divisor(size))
}

/// Hundredths rendered with as few decimals as exactness allows: none
/// when the fraction is zero, one when it is a multiple of ten, else
/// two.
pub open spec fn hundredths_str(r2: nat) -> Seq<char> {
    if r2 % 100 == 0 {
        dec_of(r2 / 100)
    } else if r2 % 10 == 0 {
        dec_of(r2 / 100) + seq!['.', digit_char(((r2 / 10) % 10) as int)]
    } else {
        dec_of(r2 / 100) + seq![
            '.',
            digit_char(((r2 / 10) % 10) as int),
            digit_char((r2 % 10) as int),
        ]
    }
}

/// The human-readable size string: scaled by 1024 at most three times,
/// rounded to two decimals, exact zeros dropped, unit letter appended.
pub open spec fn human_size_spec(size: nat) -> Seq<char> {
    hundredths_str(size_hundredths(size)) + seq![size_suffix(size)]
}

pub fn get_human_readable_size(size: u64) -> (r: String)
    ensures
        r@ == human_size_spec(size as nat),
{
    let d: u64 = if size >= 1073741824 {
        1073741824
    } else if size >= 1048576 {
        1048576
    } else if size >= 1024 {
        1024
    } else {
        1
    };
    let suffix: char = if size >= 1073741824 {
        'G'
    } else if size >= 1048576 {
        'M'
    } else if size >= 1024 {
        'K'
    } else {
        'B'
    };
    let num: u128 = 200u128 * (size as u128) + (d as u128);
    let den: u128 = 2u128 * (d as u128);
    let wide = num / den;
    proof {
        lemma_fundamental_div_mod(num as int, den as int);
    }
    let r2 = wide as u64;
    let mut out = u64_to_dec(r2 / 100);
    if r2 % 100 != 0 {
        out.push('.');
        out.push(digit_to_char((r2 / 10) % 10));
        if r2 % 10 != 0 {
            out.push(digit_to_char(r2 % 10));
        }
    }
    out.push(suffix);
    proof {
        assert(out@ =~= human_size_spec(size as nat));
    }
    out
}

pub open spec fn kind_char(kind: FileKind) -> char {
    match kind {
        FileKind::Directory => 'd',
        FileKind::File => '-',
        FileKind::Symlink => 'l',
        FileKind::Other => '?',
    }
}

/// The ten-character mode column: node kind, then read/write/execute
/// for user, group and other, with setuid/setgid/sticky folded into the
/// execute positions.
pub open spec fn mode_str_spec(kind: FileKind, mode: u32) -> Seq<char> {
    seq![
        kind_char(kind),
        if mode & 0o400 != 0 { 'r' } else { '-' },
        if mode & 0o200 != 0 { 'w' } else { '-' },
        if mode & 0o100 != 0 {
            if mode & 0o4000 != 0 { 's' } else { 'x' }
        } else {
            if mode & 0o4000 != 0 { 'S' } else { '-' }
        },
        if mode & 0o040 != 0 { 'r' } else { '-' },
        if mode & 0o020 != 0 { 'w' } else { '-' },
        if mode & 0o010 != 0 {
            if mode & 0o2000 != 0 { 's' } else { 'x' }
        } else {
            if mode & 0o2000 != 0 { 'S' } else { '-' }
        },
        if mode & 0o004 != 0 { 'r' } else { '-' },
        if mode & 0o002 != 0 { 'w' } else { '-' },
        if mode & 0o001 != 0 {
            if mode & 0o1000 != 0 { 't' } else { 'x' }
        } else {
            if mode & 0o1000 != 0 { 'T' } else { '-' }
        },
    ]
}

#[verifier::rlimit(50)]
pub fn get_file_mode_formated(kind: FileKind, mode: u32) -> (r: String)
    ensures
        r@ == mode_str_spec(kind, mode),
{
    let mut out = String::new();
    out.push(match kind {
        FileKind::Directory => 'd',
        FileKind::File => '-',
        FileKind::Symlink => 'l',
        FileKind::Other => '?',
    });
    out.push(if mode & 0o400 != 0 { 'r' } else { '-' });
    out.push(if mode & 0o200 != 0 { 'w' } else { '-' });
    out.push(if mode & 0o100 != 0 {
        if mode & 0o4000 != 0 { 's' } else { 'x' }
    } else {
        if mode & 0o4000 != 0 { 'S' } else { '-' }
    });
    out.push(if mode & 0o040 != 0 { 'r' } else { '-' });
    out.push(if mode & 0o020 != 0 { 'w' } else { '-' });
    out.push(if mode & 0o010 != 0 {
        if mode & 0o2000 != 0 { 's' } else { 'x' }
    } else {
        if mode & 0o2000 != 0 { 'S' } else { '-' }
    });
    out.push(if mode & 0o004 != 0 { 'r' } else { '-' });
    out.push(if mode & 0o002 != 0 { 'w' } else { '-' });
    out.push(if mode & 0o001 != 0 {
        if mode & 0o1000 != 0 { 't' } else { 'x' }
    } else {
        if mode & 0o1000 != 0 { 'T' } else { '-' }
    });
    proof {
        assert(out@ =~= mode_str_spec(kind, mode));
    }
    out
}

impl MetaData {
    pub open spec fn matches_stat(&self, stat: StatInfo) -> bool {
        &&& self.size == stat.size
        &&& self.human_size@ == human_size_spec(stat.size as nat)
        &&& self.inode == stat.inode
        &&& self.mode == stat.mode
        &&& self.mode_str@ == mode_str_spec(stat.kind, stat.mode)
        &&& self.executable == (stat.kind is File && stat.mode & 0o111 != 0)
        &&& self.created_at == stat.created
        &&& self.modified_at == stat.modified
    }

    /// All derived metadata of one stat snapshot: sizes, the rendered
    /// mode column, the executable flag and the two timestamps.
    pub fn from_stat(stat: &StatInfo) -> (r: MetaData)
        ensures
            r.matches_stat(*stat),
    {
        MetaData {
            size: stat.size,
            human_size: get_human_readable_size(stat.size),
            inode: stat.inode,
            mode: stat.mode,
            mode_str: get_file_mode_formated(stat.kind, stat.mode),
            executable: match stat.kind {
                FileKind::File => stat.mode & 0o111 != 0,
                _ => false,
            },
            created_at: stat.created,
            modified_at: stat.modified,
        }
    }
}

#[derive(Debug, Clone, Copy, Default)]
pub struct FileStyle {
    pub suffix: Option<char>,
    pub color: FileColor,
}

#[derive(Debug, Clone)]
pub struct BaseInfo {
    pub name: String,
    pub style: FileStyle,
    pub path: String,
    /// The canonical identity of the node, resolved by the shell for
    /// directories; `None` when canonicalization failed or was not
    /// attempted.  Traversal uses it for cycle avoidance.
    pub canonical: Option<u64>,
}

pub enum FileType {
    File,
    Directory,
    Link,
}

impl FileType {
    pub fn is_file(&self) -> (r: bool)
        ensures
            r == (self is File),
    {
        matches!(self, FileType::File)
    }

    pub fn is_directory(&self) -> (r: bool)
        ensures
            r == (self is Directory),
    {
        matches!(self, FileType::Directory)
    }

    pub fn is_link(&self) -> (r: bool)
        ensures
            r == (self is Link),
    {
        matches!(self, FileType::Link)
    }

    /// The bare kind of an already-classified entry.
    pub fn of_entry(entry: &FileSystemEntry) -> (r: FileType)
        ensures
            r is File <==> entry is File,
            r is Directory <==> entry is Directory,
            r is Link <==> entry is Link,
    {
        match entry {
            FileSystemEntry::File { .. } => FileType::File,
            FileSystemEntry::Directory { .. } => FileType::Directory,
            FileSystemEntry::Link { .. } => FileType::Link,
        }
    }
}

/// One classified filesystem node.  A directory owns its children; the
/// sequence is empty until traversal fills it.  A link holds its raw
/// target, never dereferenced.
#[derive(Debug)]
pub enum FileSystemEntry {
    File { base_info: BaseInfo, metadata: MetaData, extension: Option<String> },
    Directory { base_info: BaseInfo, metadata: MetaData, entries: Vec<FileSystemEntry> },
    Link { base_info: BaseInfo, metadata: MetaData, target: String },
}

/// Two base records hold the same data, compared by view.
pub open spec fn base_info_like(a: BaseInfo, b: BaseInfo) -> bool {
    &&& a.name@ == b.name@
    &&& a.path@ == b.path@
    &&& a.canonical == b.canonical
    &&& a.style.suffix == b.style.suffix
    &&& a.style.color == b.style.color
}

/// Two metadata records hold the same data, compared by view.
pub open spec fn metadata_like(a: MetaData, b: MetaData) -> bool {
    &&& a.size == b.size
    &&& a.human_size@ == b.human_size@
    &&& a.inode == b.inode
    &&& a.mode == b.mode
    &&& a.mode_str@ == b.mode_str@
    &&& a.executable == b.executable
    &&& a.created_at == b.created_at
    &&& a.modified_at == b.modified_at
}

/// Two entry trees hold the same data: same variant, equal views in
/// every field, and pairwise-alike children.
pub open spec fn entry_like(a: FileSystemEntry, b: FileSystemEntry) -> bool
    decreases a, 1int, 0int,
{
    match (a, b) {
        (
            FileSystemEntry::File { base_info: b1, metadata: m1, extension: e1 },
            FileSystemEntry::File { base_info: b2, metadata: m2, extension: e2 },
        ) => base_info_like(b1, b2) && metadata_like(m1, m2) && (match (e1, e2) {
            (Option::Some(x), Option::Some(y)) => x@ == y@,
            (Option::None, Option::None) => true,
            _ => false,
        }),
        (
            FileSystemEntry::Directory { base_info: b1, metadata: m1, entries: n1 },
            FileSystemEntry::Directory { base_info: b2, metadata: m2, entries: n2 },
        ) => base_info_like(b1, b2) && metadata_like(m1, m2) && entries_like(
            n1@,
            n2@,
            n1@.len() as int,
        ),
        (
            FileSystemEntry::Link { base_info: b1, metadata: m1, target: t1 },
            FileSystemEntry::Link { base_info: b2, metadata: m2, target: t2 },
        ) => base_info_like(b1, b2) && metadata_like(m1, m2) && t1@ == t2@,
        _ => false,
    }
}

/// The first `k` entries of the two sequences are pairwise alike, and
/// the sequences have one length.
pub open spec fn entries_like(a: Seq<FileSystemEntry>, b: Seq<FileSystemEntry>, k: int) -> bool
    decreases a, 0int, k,
{
    if a.len() != b.len() {
        false
    } else if k <= 0 || k > a.len() {
        true
    } else {
        entries_like(a, b, k - 1) && entry_like(a[k - 1], b[k - 1])
    }
}

/// Pairwise-alike entries make alike sequences.
pub proof fn lemma_entries_like_pointwise(a: Seq<FileSystemEntry>, b: Seq<FileSystemEntry>, k: int)
    requires
        a.len() == b.len(),
        k <= a.len(),
        forall|j: int| 0 <= j < k ==> entry_like(#[trigger] a[j], #[trigger] b[j]),
    ensures
        entries_like(a, b, k),
    decreases (if k > 0 { k } else { 0int }),
{
    if k > 0 {
        lemma_entries_like_pointwise(a, b, k - 1);
    }
}

fn clone_base_info(b: &BaseInfo) -> (r: BaseInfo)
    ensures
        base_info_like(*b, r),
{
    BaseInfo { name: b.name.clone(), style: b.style, path: b.path.clone(), canonical: b.canonical }
}

fn clone_metadata(m: &MetaData) -> (r: MetaData)
    ensures
        metadata_like(*m, r),
{
    MetaData {
        size: m.size,
        human_size: m.human_size.clone(),
        inode: m.inode,
        mode: m.mode,
        mode_str: m.mode_str.clone(),
        executable: m.executable,
        created_at: m.created_at,
        modified_at: m.modified_at,
    }
}

impl Clone for FileSystemEntry {
    /// A deep copy of the entry tree, alike in every view.
    fn clone(&self) -> (res: Self)
        ensures
            entry_like(*self, res),
        decreases *self,
    {
        match self {
            FileSystemEntry::File { base_info, metadata, extension } => FileSystemEntry::File {
                base_info: clone_base_info(base_info),
                metadata: clone_metadata(metadata),
                extension: match extension {
                    Some(x) => Some(x.clone()),
                    None => None,
                },
            },
            FileSystemEntry::Directory { base_info, metadata, entries } => {
                let mut children: Vec<FileSystemEntry> = Vec::new();
                let mut i: usize = 0;
                while i < entries.len()
                    invariant
                        i <= entries.len(),
                        *self matches FileSystemEntry::Directory { entries: e, .. } && e == entries,
                        children@.len() == i,
                        forall|j: int|
                            0 <= j < i ==> entry_like(
                                #[trigger] entries@[j],
                                #[trigger] children@[j],
                            ),
                    decreases entries.len() - i,
                {
                    children.push(entries[i].clone());
                    i = i + 1;
                }
                proof {
                    lemma_entries_like_pointwise(entries@, children@, entries@.len() as int);
                }
                FileSystemEntry::Directory {
                    base_info: clone_base_info(base_info),
                    metadata: clone_metadata(metadata),
                    entries: children,
                }
            },
            FileSystemEntry::Link { base_info, metadata, target } => FileSystemEntry::Link {
                base_info: clone_base_info(base_info),
                metadata: clone_metadata(metadata),
                target: target.clone(),
            },
        }
    }
}

/// The style assigned at classification time: `/` and blue for
/// directories, `@` and aqua for links, green for executable regular
/// files, plain white otherwise.
pub open spec fn style_spec(kind: FileKind, mode: u32) -> FileStyle {
    match kind {
        FileKind::File => if mode & 0o111 != 0 {
            FileStyle { suffix: None, color: FileColor::Green }
        } else {
            FileStyle { suffix: None, color: FileColor::White }
        },
        FileKind::Directory => FileStyle { suffix: Some('/'), color: FileColor::Blue },
        FileKind::Symlink => FileStyle { suffix: Some('@'), color: FileColor::Aqua },
        FileKind::Other => FileStyle { suffix: None, color: FileColor::White },
    }
}

pub open spec fn style_eq(a: FileStyle, b: FileStyle) -> bool {
    a.suffix == b.suffix && a.color == b.color
}

/// The last `/`-free run of the path, after trailing slashes.
pub open spec fn trim_slashes(s: Seq<char>) -> Seq<char>
    decreases s.len(),
{
    if s.len() > 0 && s.last() == '/' {
        trim_slashes(s.drop_last())
    } else {
        s
    }
}

pub open spec fn tail_component(s: Seq<char>) -> Seq<char>
    decreases s.len(),
{
    if s.len() == 0 {
        s
    } else if s.last() == '/' {
        Seq::empty()
    } else {
        tail_component(s.drop_last()).push(s.last())
    }
}

/// The final path component: the last non-empty, non-`.`/`..` run
/// before any trailing slashes; `None` where the path has none (the
/// root, an empty path, or one ending in `.` or `..`).
pub open spec fn file_name_of(path: Seq<char>) -> Option<Seq<char>> {
    let c = tail_component(trim_slashes(path));
    if c.len() == 0 || c == seq!['.'] || c == seq!['.', '.'] {
        None
    } else {
        Some(c)
    }
}

/// The index of the last `.` of the name, if any.
pub open spec fn last_dot(s: Seq<char>) -> Option<int>
    decreases s.len(),
{
    if s.len() == 0 {
        None
    } else if s.last() == '.' {
        Some(s.len() - 1)
    } else {
        last_dot(s.drop_last())
    }
}

/// The extension of a file name: what follows the final `.`, none when
/// there is no dot or the only dot starts the (hidden) name.
pub open spec fn extension_of(name: Seq<char>) -> Option<Seq<char>> {
    match last_dot(name) {
        Option::None => None,
        Option::Some(i) => if i == 0 {
            None
        } else {
            Some(name.subrange(i + 1, name.len() as int))
        },
    }
}

fn char_at_is(s: &str, k: usize, c: char) -> (r: bool)
    requires
        1 <= k <= s@.len(),
    ensures
        r == (s@[k - 1] == c),
{
    s.get_char(k - 1) == c
}

fn char_at_is_not(s: &str, k: usize, c: char) -> (r: bool)
    requires
        1 <= k <= s@.len(),
    ensures
        r == (s@[k - 1] != c),
{
    s.get_char(k - 1) != c
}

/// The final component of a path, or a `NoneValue` failure where the
/// path has none.
pub fn path_to_string(path: &str) -> (r: LsResult<String>)
    ensures
        r matches Ok(n) ==> file_name_of(path@) matches Some(m) && n@ == m,
        r matches Err(e) ==> file_name_of(path@) is None && e is NoneValue,
{
    let len = path.unicode_len();
    let mut k = len;
    proof {
        assert(path@.subrange(0, k as int) =~= path@);
    }
    while k > 0 && char_at_is(path, k, '/')
        invariant
            k <= len,
            len == path@.len(),
            trim_slashes(path@) == trim_slashes(path@.subrange(0, k as int)),
        decreases k,
    {
        proof {
            assert(path@.subrange(0, k - 1) =~= path@.subrange(0, k as int).drop_last());
        }
        k = k - 1;
    }
    let ghost trimmed = path@.subrange(0, k as int);
    proof {
        assert(trim_slashes(path@) == trimmed);
    }
    let mut j = k;
    proof {
        assert(tail_component(trimmed) =~= tail_component(path@.subrange(0, j as int))
            + path@.subrange(j as int, k as int));
    }
    while j > 0 && char_at_is_not(path, j, '/')
        invariant
            j <= k <= len,
            len == path@.len(),
            trimmed == path@.subrange(0, k as int),
            tail_component(trimmed) == tail_component(path@.subrange(0, j as int)) + path@.subrange(
                j as int,
                k as int,
            ),
        decreases j,
    {
        proof {
            let pre = path@.subrange(0, j as int);
            assert(path@.subrange(0, j - 1) =~= pre.drop_last());
            assert(tail_component(pre) == tail_component(pre.drop_last()).push(path@[j - 1]));
            assert(tail_component(pre.drop_last()).push(path@[j - 1]) + path@.subrange(
                j as int,
                k as int,
            ) =~= tail_component(pre.drop_last()) + path@.subrange(j - 1, k as int));
        }
        j = j - 1;
    }
    proof {
        if j == 0 {
            assert(path@.subrange(0, 0) =~= Seq::<char>::empty());
            assert(tail_component(Seq::<char>::empty()) + path@.subrange(0, k as int)
                =~= path@.subrange(0, k as int));
        } else {
            assert(tail_component(path@.subrange(0, j as int)) =~= Seq::<char>::empty());
            assert(Seq::<char>::empty() + path@.subrange(j as int, k as int) =~= path@.subrange(
                j as int,
                k as int,
            ));
        }
        assert(tail_component(trimmed) =~= path@.subrange(j as int, k as int));
    }
    let clen = k - j;
    if clen == 0 {
        return Err(LsError::none_from("incorrect file_name"));
    }
    if clen == 1 && char_at_is(path, k, '.') {
        proof {
            assert(tail_component(trimmed) =~= seq!['.']);
        }
        return Err(LsError::none_from("incorrect file_name"));
    }
    if clen == 2 && char_at_is(path, k, '.') && char_at_is(path, k - 1, '.') {
        proof {
            assert(tail_component(trimmed) =~= seq!['.', '.']);
        }
        return Err(LsError::none_from("incorrect file_name"));
    }
    proof {
        let c = tail_component(trimmed);
        assert(c != seq!['.'] && c != seq!['.', '.']) by {
            if c == seq!['.'] {
                assert(c.len() == 1 && c[0] == '.');
                assert(path@[j as int] == '.');
            }
            if c == seq!['.', '.'] {
                assert(c.len() == 2 && c[0] == '.' && c[1] == '.');
                assert(path@[j as int] == '.' && path@[j + 1] == '.');
            }
        }
    }
    let sub = path.substring_char(j, k);
    Ok(sub.to_owned())
}

/// The extension of a file name, by the final-dot rule.
pub fn extension_name(name: &str) -> (r: Option<String>)
    ensures
        r matches Some(e) ==> extension_of(name@) matches Some(m) && e@ == m,
        r is None ==> extension_of(name@) is None,
{
    let len = name.unicode_len();
    let mut k = len;
    proof {
        assert(name@.subrange(0, k as int) =~= name@);
    }
    while k > 0 && char_at_is_not(name, k, '.')
        invariant
            k <= len,
            len == name@.len(),
            last_dot(name@) == last_dot(name@.subrange(0, k as int)),
        decreases k,
    {
        proof {
            assert(name@.subrange(0, k - 1) =~= name@.subrange(0, k as int).drop_last());
        }
        k = k - 1;
    }
    if k <= 1 {
        proof {
            if k == 1 {
                assert(name@.subrange(0, 1).last() == name@[0]);
            }
        }
        None
    } else {
        proof {
            assert(name@.subrange(0, k as int).last() == name@[k - 1]);
            assert(last_dot(name@) == Some(k - 1int));
        }
        let sub = name.substring_char(k, len);
        proof {
            assert(sub@ =~= name@.subrange(k as int, name@.len() as int));
        }
        Some(sub.to_owned())
    }
}

/// Whether a classified entry correctly reflects its raw stat data:
/// right variant, all metadata derived, style assigned, extension or
/// link target recorded.  Children are not constrained; traversal may
/// have filled them.
pub open spec fn classified_core(
    name: Seq<char>,
    path: Seq<char>,
    stat: StatInfo,
    link_target: Option<String>,
    canonical: Option<u64>,
    e: FileSystemEntry,
) -> bool {
    match e {
        FileSystemEntry::File { base_info, metadata, extension } => {
            &&& stat.kind is File
            &&& base_info.name@ == name
            &&& base_info.path@ == path
            &&& base_info.canonical == canonical
            &&& style_eq(base_info.style, style_spec(stat.kind, stat.mode))
            &&& metadata.matches_stat(stat)
            &&& match (extension, extension_of(name)) {
                (Option::Some(a), Option::Some(b)) => a@ == b,
                (Option::None, Option::None) => true,
                _ => false,
            }
        },
        FileSystemEntry::Directory { base_info, metadata, entries } => {
            &&& stat.kind is Directory
            &&& base_info.name@ == name
            &&& base_info.path@ == path
            &&& base_info.canonical == canonical
            &&& style_eq(base_info.style, style_spec(stat.kind, stat.mode))
            &&& metadata.matches_stat(stat)
        },
        FileSystemEntry::Link { base_info, metadata, target } => {
            &&& stat.kind is Symlink
            &&& base_info.name@ == name
            &&& base_info.path@ == path
            &&& base_info.canonical == canonical
            &&& style_eq(base_info.style, style_spec(stat.kind, stat.mode))
            &&& metadata.matches_stat(stat)
            &&& link_target matches Some(t) && target@ == t@
        },
    }
}

/// A freshly classified entry: correct by `classified_core`, with no
/// children yet.
pub open spec fn classified_ok(
    name: Seq<char>,
    path: Seq<char>,
    stat: StatInfo,
    link_target: Option<String>,
    canonical: Option<u64>,
    e: FileSystemEntry,
) -> bool {
    classified_core(name, path, stat, link_target, canonical, e) && e.entries_spec().len() == 0
}

impl FileSystemEntry {
    /// Classifies one stat snapshot into an entry.  A regular file, a
    /// directory (with no children yet) or a symlink (with the target
    /// the shell read) is accepted; a symlink whose target could not be
    /// read is an I/O failure, and any other node kind is an
    /// unknown-file-type failure.
    pub fn new_from_values(
        name: String,
        path: String,
        stat: &StatInfo,
        link_target: Option<String>,
        canonical: Option<u64>,
    ) -> (r: LsResult<FileSystemEntry>)
        ensures
            stat.kind is File ==> (r matches Ok(e) && classified_ok(
                name@,
                path@,
                *stat,
                link_target,
                canonical,
                e,
            )),
            stat.kind is Directory ==> (r matches Ok(e) && classified_ok(
                name@,
                path@,
                *stat,
                link_target,
                canonical,
                e,
            )),
            stat.kind is Symlink && link_target is Some ==> (r matches Ok(e) && classified_ok(
                name@,
                path@,
                *stat,
                link_target,
                canonical,
                e,
            )),
            stat.kind is Symlink && link_target is None ==> (r matches Err(e) && e is IOError),
            stat.kind is Other ==> (r matches Err(e) && e matches LsError::UnknownTypeOfFile(n)
                && n@ == name@),
    {
        let meta_data = MetaData::from_stat(stat);
        match stat.kind {
            FileKind::File => {
                let extension = extension_name(name.as_str());
                Ok(FileSystemEntry::File {
                    extension,
                    base_info: BaseInfo {
                        style: if meta_data.executable {
                            FileStyle { suffix: None, color: FileColor::Green }
                        } else {
                            FileStyle { suffix: None, color: FileColor::White }
                        },
                        name,
                        path,
                        canonical,
                    },
                    metadata: meta_data,
                })
            },
            FileKind::Directory => Ok(FileSystemEntry::Directory {
                base_info: BaseInfo {
                    name,
                    style: FileStyle { suffix: Some('/'), color: FileColor::Blue },
                    path,
                    canonical,
                },
                metadata: meta_data,
                entries: Vec::new(),
            }),
            FileKind::Symlink => {
                match link_target {
                    Some(target) => Ok(FileSystemEntry::Link {
                        base_info: BaseInfo {
                            name,
                            style: FileStyle { suffix: Some('@'), color: FileColor::Aqua },
                            path,
                            canonical,
                        },
                        metadata: meta_data,
                        target,
                    }),
                    None => Err(LsError::IOError("cannot read link target".to_owned())),
                }
            },
            FileKind::Other => Err(LsError::UnknownTypeOfFile(name)),
        }
    }

    pub open spec fn base_info_spec(&self) -> BaseInfo {
        match self {
            FileSystemEntry::File { base_info, .. } => *base_info,
            FileSystemEntry::Directory { base_info, .. } => *base_info,
            FileSystemEntry::Link { base_info, .. } => *base_info,
        }
    }

    pub open spec fn metadata_spec(&self) -> MetaData {
        match self {
            FileSystemEntry::File { metadata, .. } => *metadata,
            FileSystemEntry::Directory { metadata, .. } => *metadata,
            FileSystemEntry::Link { metadata, .. } => *metadata,
        }
    }

    pub open spec fn name_spec(&self) -> Seq<char> {
        self.base_info_spec().name@
    }

    /// The children of a directory (empty for the other variants).
    pub open spec fn entries_spec(&self) -> Seq<FileSystemEntry> {
        match self {
            FileSystemEntry::Directory { entries, .. } => entries@,
            _ => Seq::empty(),
        }
    }

    /// The styled display name: the name wrapped in its color code and
    /// the reset code, with the suffix character appended uncolored.
    pub open spec fn styled_name_spec(&self) -> Seq<char> {
        let info = self.base_info_spec();
        let suffix = match info.style.suffix {
            Option::Some(c) => seq![c],
            Option::None => Seq::<char>::empty(),
        };
        color_code_spec(info.style.color) + info.name@ + reset_code_spec() + suffix
    }

    pub fn get_styled_name_by_info(&self, info: &BaseInfo) -> (r: String)
        ensures
            r@ == color_code_spec(info.style.color) + info.name@ + reset_code_spec() + (
            match info.style.suffix {
                Option::Some(c) => seq![c],
                Option::None => Seq::<char>::empty(),
            }),
    {
        let mut out = info.style.color.wrap(info.name.as_str());
        match info.style.suffix {
            Some(suffix) => {
                out.push(suffix);
                proof {
                    assert(out@ =~= color_code_spec(info.style.color) + info.name@
                        + reset_code_spec() + seq![info.style.suffix->0]);
                }
            },
            None => {
                proof {
                    assert(out@ =~= color_code_spec(info.style.color) + info.name@
                        + reset_code_spec() + Seq::<char>::empty());
                }
            },
        }
        out
    }

    pub fn get_styled_name(&self) -> (r: String)
        ensures
            r@ == self.styled_name_spec(),
    {
        match self {
            FileSystemEntry::File { base_info, .. } => self.get_styled_name_by_info(base_info),
            FileSystemEntry::Directory { base_info, .. } => self.get_styled_name_by_info(
                base_info,
            ),
            FileSystemEntry::Link { base_info, .. } => self.get_styled_name_by_info(base_info),
        }
    }

    pub open spec fn is_hidden_spec(&self) -> bool {
        self.name_spec().len() > 0 && self.name_spec()[0] == '.'
    }

    /// Whether the name starts with a dot.
    pub fn is_hidden(&self) -> (r: bool)
        ensures
            r == self.is_hidden_spec(),
    {
        let name = self.name();
        name.unicode_len() > 0 && name.get_char(0) == '.'
    }

    pub fn metadata(&self) -> (r: &MetaData)
        ensures
            *r == self.metadata_spec(),
    {
        match self {
            FileSystemEntry::File { metadata, .. } => metadata,
            FileSystemEntry::Directory { metadata, .. } => metadata,
            FileSystemEntry::Link { metadata, .. } => metadata,
        }
    }

    pub fn base_info(&self) -> (r: &BaseInfo)
        ensures
            *r == self.base_info_spec(),
    {
        match self {
            FileSystemEntry::File { base_info, .. } => base_info,
            FileSystemEntry::Directory { base_info, .. } => base_info,
            FileSystemEntry::Link { base_info, .. } => base_info,
        }
    }

    pub fn name(&self) -> (r: &str)
        ensures
            r@ == self.name_spec(),
    {
        match self {
            FileSystemEntry::File { base_info, .. } => base_info.name.as_str(),
            FileSystemEntry::Directory { base_info, .. } => base_info.name.as_str(),
            FileSystemEntry::Link { base_info, .. } => base_info.name.as_str(),
        }
    }

    pub fn cname(&self) -> (r: String)
        ensures
            r@ == self.name_spec(),
    {
        match self {
            FileSystemEntry::File { base_info, .. } => base_info.name.clone(),
            FileSystemEntry::Directory { base_info, .. } => base_info.name.clone(),
            FileSystemEntry::Link { base_info, .. } => base_info.name.clone(),
        }
    }

    pub fn style(&self) -> (r: &FileStyle)
        ensures
            *r == self.base_info_spec().style,
    {
        match self {
            FileSystemEntry::File { base_info, .. } => &base_info.style,
            FileSystemEntry::Directory { base_info, .. } => &base_info.style,
            FileSystemEntry::Link { base_info, .. } => &base_info.style,
        }
    }

    pub fn to_string_short(&self) -> (r: String)
        ensures
            r@ == self.styled_name_spec(),
    {
        self.get_styled_name()
    }

    pub fn is_dir(&self) -> (r: bool)
        ensures
            r == (self is Directory),
    {
        matches!(self, FileSystemEntry::Directory { .. })
    }

    /// The children of a directory, `None` for the other variants.
    pub fn get_dir_entries(&self) -> (r: Option<&Vec<FileSystemEntry>>)
        ensures
            r matches Some(v) <==> self is Directory,
            r matches Some(v) ==> v@ == self.entries_spec(),
    {
        match self {
            FileSystemEntry::Directory { entries, .. } => Some(entries),
            _ => None,
        }
    }

    /// One long-format line: optional inode, mode column, the size
    /// (raw or human-readable) left-aligned to the widest size, the
    /// timestamp right-aligned to the widest timestamp, and the styled
    /// name.
    pub open spec fn long_line_spec(
        &self,
        human_size: bool,
        inode: bool,
        max_size: int,
        max_time: int,
    ) -> Seq<char> {
        let md = self.metadata_spec();
        let size_str = if human_size {
            md.human_size@
        } else {
            dec_of(md.size as nat)
        };
        (if inode {
            dec_of(md.inode as nat) + seq![' ']
        } else {
            Seq::<char>::empty()
        }) + md.mode_str@ + seq![' '] + pad_right_spec(size_str, max_size) + seq![' ']
            + pad_left_spec(md.modified_at.format_spec(), max_time) + seq![' ']
            + self.styled_name_spec()
    }

    pub fn to_string_long(&self, human_size: bool, inode: bool, max_size: usize, max_time: usize)
        -> (r: String)
        ensures
            r@ == self.long_line_spec(human_size, inode, max_size as int, max_time as int),
    {
        let styled_name = self.get_styled_name();
        let md = self.metadata();
        let date_str = md.modified_at.format();
        let mut out = if inode {
            let mut p = u64_to_dec(md.inode);
            p.push(' ');
            p
        } else {
            String::new()
        };
        out.append(md.mode_str.as_str());
        out.push(' ');
        let size_str = if human_size {
            md.human_size.clone()
        } else {
            u64_to_dec(md.size)
        };
        let padded_size = pad_right(size_str.as_str(), max_size);
        out.append(padded_size.as_str());
        out.push(' ');
        let padded_date = pad_left(date_str.as_str(), max_time);
        out.append(padded_date.as_str());
        out.push(' ');
        out.append(styled_name.as_str());
        proof {
            assert(out@ =~= self.long_line_spec(
                human_size,
                inode,
                max_size as int,
                max_time as int,
            ));
        }
        out
    }
}


/// What the shell gathered for one directory child in a single pass:
/// its name and path as plain strings, the stat snapshot, the link
/// target for a symlink, and the canonical identity of a directory.
#[derive(Debug, Clone)]
pub struct RawEntry {
    pub name: String,
    pub path: String,
    pub stat: StatInfo,
    pub link_target: Option<String>,
    pub canonical: Option<u64>,
}

/// An entry correctly classifies a raw child (children aside).
pub open spec fn raw_classifies(raw: RawEntry, e: FileSystemEntry) -> bool {
    classified_core(raw.name@, raw.path@, raw.stat, raw.link_target, raw.canonical, e)
}

impl FileSystemEntry {
    /// Classifies one raw child as the shell gathered it.
    pub fn classify_raw(raw: &RawEntry) -> (r: LsResult<FileSystemEntry>)
        ensures
            (match raw.stat.kind {
                FileKind::File => true,
                FileKind::Directory => true,
                FileKind::Symlink => raw.link_target is Some,
                FileKind::Other => false,
            }) ==> (r matches Ok(e) && raw_classifies(*raw, e) && e.entries_spec().len() == 0),
            raw.stat.kind is Symlink && raw.link_target is None ==> (r matches Err(e)
                && e is IOError),
            raw.stat.kind is Other ==> (r matches Err(e) && e matches LsError::UnknownTypeOfFile(n)
                && n@ == raw.name@),
    {
        let name = raw.name.clone();
        let path = raw.path.clone();
        let link_target = match &raw.link_target {
            Some(t) => Some(t.clone()),
            None => None,
        };
        let r = Self::new_from_values(name, path, &raw.stat, link_target, raw.canonical);
        r
    }
}

} // verus!
